//! What the project list decides without drawing anything: which projects
//! it shows and in what order, which of them a search picks, and what a key
//! does to it.

use crate::projects::{project_views, Project, ProjectView};
use crate::sorting::{Filter, Sorting};
use vstd::prelude::*;
use vstd::string::StrSliceExecFns;

verus! {

/// Where the part of `text` that starts at `from` ends: at the first `/`
/// from there on, or at the end of the text.
pub open spec fn segment_end(text: Seq<char>, from: int) -> int
    decreases text.len() - from,
{
    if from >= text.len() {
        text.len() as int
    } else if text[from] == '/' {
        from
    } else {
        segment_end(text, from + 1)
    }
}

/// The part number `n`, from 0, of what `text` holds from `from` on, when it
/// is split at each `/`; `None` where it has fewer parts.
pub open spec fn nth_segment(text: Seq<char>, from: int, n: nat) -> Option<Seq<char>>
    decreases n,
{
    let end = segment_end(text, from);
    if from < 0 || from > text.len() {
        None
    } else if n == 0 {
        Some(text.subrange(from, end))
    } else if end >= text.len() {
        None
    } else {
        nth_segment(text, end + 1, (n - 1) as nat)
    }
}

/// The user that a remote names: the fourth of the parts that the slashes
/// divide its URL into, as in `https://host/user/repository`. Empty where
/// there is no remote, or where its URL has fewer parts.
pub open spec fn remote_username(remote_url: Option<Seq<char>>) -> Seq<char> {
    match remote_url {
        None => Seq::empty(),
        Some(url) => match nth_segment(url, 0, 3) {
            Some(name) => name,
            None => Seq::empty(),
        },
    }
}

/// The user that the remote of a project names.
pub fn get_remote_username(project: &Project) -> (name: String)
    ensures
        name@ == remote_username(project@.git_info.remote_url),
{
    let url: &str = match &project.git_info.remote_url {
        Some(url) => url.as_str(),
        None => {
            return String::new();
        },
    };
    let len: usize = url.unicode_len();
    let mut start: usize = 0;
    let mut passed: usize = 0;
    let mut i: usize = 0;
    while i < len
        invariant
            start <= i <= len,
            len == url@.len(),
            project@.git_info.remote_url == Some(url@),
            passed <= 3,
            nth_segment(url@, start as int, (3 - passed) as nat) == nth_segment(url@, 0, 3),
            segment_end(url@, start as int) == segment_end(url@, i as int),
        decreases len - i,
    {
        if url.get_char(i) == '/' {
            if passed == 3 {
                return url.substring_char(start, i).to_owned();
            }
            passed += 1;
            start = i + 1;
        }
        i += 1;
    }
    if passed == 3 {
        url.substring_char(start, len).to_owned()
    } else {
        String::new()
    }
}

/// Whether the first path comes before the second as `std::path::Path`
/// orders paths: part by part, not character by character.
pub uninterp spec fn path_precedes(first: Seq<char>, second: Seq<char>) -> bool;

/// The `<` of `std::path::Path`: whether the first path comes before the
/// second in the order of paths. Nothing more is claimed of that order than
/// that it depends on the two paths alone.
#[verifier::external_body]
fn path_comes_first(first: &str, second: &str) -> (before: bool)
    ensures
        before == path_precedes(first@, second@),
{
    std::path::Path::new(first) < std::path::Path::new(second)
}

/// `needle` stands somewhere in `haystack`, character for character.
pub open spec fn contains_text(haystack: Seq<char>, needle: Seq<char>) -> bool {
    exists|at: int|
        0 <= at <= haystack.len() - needle.len() && #[trigger] haystack.subrange(
            at,
            at + needle.len(),
        ) == needle
}

/// `str::contains` of std with a string as its pattern: whether the pattern
/// matches a part of the text.
#[verifier::external_body]
fn text_contains(haystack: &str, needle: &str) -> (found: bool)
    ensures
        found == contains_text(haystack@, needle@),
{
    haystack.contains(needle)
}

/// `String::push` of std: appends a character.
#[verifier::external_body]
fn push_char(text: &mut String, c: char)
    ensures
        final(text)@ == old(text)@.push(c),
{
    text.push(c)
}

/// `String::pop` of std: removes the last character, where there is one.
#[verifier::external_body]
fn pop_char(text: &mut String)
    ensures
        final(text)@ == if old(text)@.len() > 0 {
            old(text)@.drop_last()
        } else {
            old(text)@
        },
{
    text.pop();
}

/// Whether project `a` comes before project `b` in an order: by path, by
/// size, by number of commits, by date of the first or of the last commit,
/// or by lines in all languages.
pub open spec fn sorts_before(sort: Sorting, a: ProjectView, b: ProjectView) -> bool {
    match sort {
        Sorting::Name => path_precedes(a.path, b.path),
        Sorting::Size => a.size < b.size,
        Sorting::Commits => a.git_info.commit_count < b.git_info.commit_count,
        Sorting::CreationDate => a.git_info.init_date < b.git_info.init_date,
        Sorting::ModificationDate => a.git_info.last_commit_date < b.git_info.last_commit_date,
        Sorting::Loc => a.languages_total.lines < b.languages_total.lines,
    }
}

/// Where a project goes among sorted ones: behind the last that it does not
/// come before, so that projects of equal rank keep their order.
pub open spec fn sorted_slot(sort: Sorting, sorted: Seq<ProjectView>, item: ProjectView) -> int
    decreases sorted.len(),
{
    if sorted.len() == 0 {
        0
    } else if !sorts_before(sort, item, sorted.last()) {
        sorted.len() as int
    } else {
        sorted_slot(sort, sorted.drop_last(), item)
    }
}

/// The projects in rising order; projects of equal rank in the order in
/// which they were.
pub open spec fn sorted_by(sort: Sorting, items: Seq<ProjectView>) -> Seq<ProjectView>
    decreases items.len(),
{
    if items.len() == 0 {
        Seq::empty()
    } else {
        let sorted = sorted_by(sort, items.drop_last());
        sorted.insert(sorted_slot(sort, sorted, items.last()), items.last())
    }
}

/// The projects as the list shows them: in rising order, or with `invert`
/// in the reverse of that.
pub open spec fn arranged(sort: Sorting, invert: bool, items: Seq<ProjectView>) -> Seq<
    ProjectView,
> {
    if invert {
        sorted_by(sort, items).reverse()
    } else {
        sorted_by(sort, items)
    }
}

/// Whether a filter lets a project through, for a user of the given name.
pub open spec fn passes(filter: Filter, username: Seq<char>, project: ProjectView) -> bool {
    match filter {
        Filter::All => true,
        Filter::Owned => remote_username(project.git_info.remote_url) == username,
        Filter::NotOwned => remote_username(project.git_info.remote_url) != username,
        Filter::HasRemote => project.git_info.remote_url is Some,
        Filter::NoRemote => project.git_info.remote_url is None,
    }
}

/// The projects that a filter lets through, in their order.
pub open spec fn filtered(filter: Filter, username: Seq<char>, items: Seq<ProjectView>) -> Seq<
    ProjectView,
>
    decreases items.len(),
{
    if items.len() == 0 {
        Seq::empty()
    } else if passes(filter, username, items.last()) {
        filtered(filter, username, items.drop_last()).push(items.last())
    } else {
        filtered(filter, username, items.drop_last())
    }
}

/// The indices of the projects whose path contains `text`, in rising order.
pub open spec fn matching(items: Seq<ProjectView>, text: Seq<char>) -> Seq<int>
    decreases items.len(),
{
    if items.len() == 0 {
        Seq::empty()
    } else if contains_text(items.last().path, text) {
        matching(items.drop_last(), text).push(items.len() - 1)
    } else {
        matching(items.drop_last(), text)
    }
}

/// The index of the search's hit number `index`, from 0, and `None` where
/// the search has fewer hits.
pub open spec fn hit(items: Seq<ProjectView>, text: Seq<char>, index: int) -> Option<usize> {
    let hits = matching(items, text);
    if 0 <= index < hits.len() {
        Some(hits[index] as usize)
    } else {
        None
    }
}

/// Sorting keeps every project, as often as it was there.
pub proof fn law_sorted_by_keeps(sort: Sorting, items: Seq<ProjectView>)
    ensures
        sorted_by(sort, items).len() == items.len(),
        sorted_by(sort, items).to_multiset() == items.to_multiset(),
    decreases items.len(),
{
    broadcast use vstd::seq_lib::group_to_multiset_ensures;

    if items.len() > 0 {
        let shorter = items.drop_last();
        let sorted = sorted_by(sort, shorter);
        law_sorted_by_keeps(sort, shorter);
        lemma_sorted_slot(sort, sorted, items.last());
        vstd::seq_lib::to_multiset_insert(
            sorted,
            sorted_slot(sort, sorted, items.last()),
            items.last(),
        );
        assert(shorter.push(items.last()) =~= items);
    } else {
        assert(items =~= Seq::<ProjectView>::empty());
    }
}

/// The slot is inside the sorted projects or at their end.
pub proof fn lemma_sorted_slot(sort: Sorting, sorted: Seq<ProjectView>, item: ProjectView)
    ensures
        0 <= sorted_slot(sort, sorted, item) <= sorted.len(),
    decreases sorted.len(),
{
    if sorted.len() > 0 && sorts_before(sort, item, sorted.last()) {
        lemma_sorted_slot(sort, sorted.drop_last(), item);
    }
}

/// The number by which an order ranks a project; the order by name ranks by
/// no number.
pub open spec fn sort_rank(sort: Sorting, project: ProjectView) -> int {
    match sort {
        Sorting::Name => 0,
        Sorting::Size => project.size as int,
        Sorting::Commits => project.git_info.commit_count as int,
        Sorting::CreationDate => project.git_info.init_date as int,
        Sorting::ModificationDate => project.git_info.last_commit_date as int,
        Sorting::Loc => project.languages_total.lines as int,
    }
}

/// The ranks of the projects rise from the first to the last, equal ranks
/// allowed.
pub open spec fn rises(sort: Sorting, items: Seq<ProjectView>) -> bool {
    forall|i: int, j: int|
        0 <= i <= j < items.len() ==> sort_rank(sort, #[trigger] items[i]) <= sort_rank(
            sort,
            #[trigger] items[j],
        )
}

/// What stands before the slot of a project does not rank above it, and
/// what stands from the slot on ranks above it.
proof fn lemma_sorted_slot_splits(sort: Sorting, sorted: Seq<ProjectView>, item: ProjectView)
    requires
        sort != Sorting::Name,
        rises(sort, sorted),
    ensures
        forall|k: int|
            0 <= k < sorted_slot(sort, sorted, item) ==> sort_rank(sort, #[trigger] sorted[k])
                <= sort_rank(sort, item),
        forall|k: int|
            sorted_slot(sort, sorted, item) <= k < sorted.len() ==> sort_rank(sort, item)
                < sort_rank(sort, #[trigger] sorted[k]),
    decreases sorted.len(),
{
    lemma_sorted_slot(sort, sorted, item);
    if sorted.len() > 0 {
        let last = sorted[sorted.len() - 1];
        if sorts_before(sort, item, last) {
            let shorter = sorted.drop_last();
            assert(rises(sort, shorter)) by {
                assert forall|i: int, j: int| 0 <= i <= j < shorter.len() implies sort_rank(
                    sort,
                    #[trigger] shorter[i],
                ) <= sort_rank(sort, #[trigger] shorter[j]) by {
                    assert(shorter[i] == sorted[i] && shorter[j] == sorted[j]);
                }
            }
            lemma_sorted_slot_splits(sort, shorter, item);
            lemma_sorted_slot(sort, shorter, item);
            assert forall|k: int| 0 <= k < sorted_slot(sort, sorted, item) implies sort_rank(
                sort,
                #[trigger] sorted[k],
            ) <= sort_rank(sort, item) by {
                assert(shorter[k] == sorted[k]);
            }
            assert forall|k: int|
                sorted_slot(sort, sorted, item) <= k < sorted.len() implies sort_rank(sort, item)
                < sort_rank(sort, #[trigger] sorted[k]) by {
                if k < shorter.len() {
                    assert(shorter[k] == sorted[k]);
                }
            }
        } else {
            assert forall|k: int| 0 <= k < sorted.len() implies sort_rank(
                sort,
                #[trigger] sorted[k],
            ) <= sort_rank(sort, item) by {
                assert(sort_rank(sort, sorted[k]) <= sort_rank(sort, last));
            }
        }
    }
}

/// In every order but that by name, which ranks by no number, the sorted
/// projects rise in rank: none stands before one of lower rank.
pub proof fn law_sorted_by_rises(sort: Sorting, items: Seq<ProjectView>)
    requires
        sort != Sorting::Name,
    ensures
        rises(sort, sorted_by(sort, items)),
    decreases items.len(),
{
    if items.len() > 0 {
        let item = items.last();
        let sorted = sorted_by(sort, items.drop_last());
        let at = sorted_slot(sort, sorted, item);
        law_sorted_by_rises(sort, items.drop_last());
        lemma_sorted_slot(sort, sorted, item);
        lemma_sorted_slot_splits(sort, sorted, item);
        let grown = sorted.insert(at, item);
        assert forall|i: int, j: int| 0 <= i <= j < grown.len() implies sort_rank(
            sort,
            #[trigger] grown[i],
        ) <= sort_rank(sort, #[trigger] grown[j]) by {
            let was_i = if i < at {
                i
            } else {
                i - 1
            };
            let was_j = if j < at {
                j
            } else {
                j - 1
            };
            if i != at {
                assert(grown[i] == sorted[was_i]);
            }
            if j != at {
                assert(grown[j] == sorted[was_j]);
            }
            if i != at && j != at {
                assert(sort_rank(sort, sorted[was_i]) <= sort_rank(sort, sorted[was_j]));
            }
        }
    }
}

/// What a filter shows passes the filter, and there is no more of it than
/// there are projects.
pub proof fn law_filtered_passes(filter: Filter, username: Seq<char>, items: Seq<ProjectView>)
    ensures
        filtered(filter, username, items).len() <= items.len(),
        forall|k: int|
            0 <= k < filtered(filter, username, items).len() ==> passes(
                filter,
                username,
                #[trigger] filtered(filter, username, items)[k],
            ),
        filter == Filter::All ==> filtered(filter, username, items) == items,
    decreases items.len(),
{
    if items.len() > 0 {
        law_filtered_passes(filter, username, items.drop_last());
        if filter == Filter::All {
            assert(items.drop_last().push(items.last()) =~= items);
        }
    } else {
        assert(items =~= Seq::<ProjectView>::empty());
    }
}

/// The hits of a search are places in the list, in rising order, and the
/// path of the project at each of them contains the text.
pub proof fn law_hits_contain_the_text(items: Seq<ProjectView>, text: Seq<char>)
    ensures
        matching(items, text).len() <= items.len(),
        forall|k: int|
            0 <= k < matching(items, text).len() ==> 0 <= #[trigger] matching(items, text)[k]
                < items.len() && contains_text(items[matching(items, text)[k]].path, text),
        forall|k: int, m: int|
            0 <= k < m < matching(items, text).len() ==> #[trigger] matching(items, text)[k]
                < #[trigger] matching(items, text)[m],
    decreases items.len(),
{
    if items.len() > 0 {
        let shorter = items.drop_last();
        law_hits_contain_the_text(shorter, text);
        let hits = matching(items, text);
        let before = matching(shorter, text);
        assert forall|k: int| 0 <= k < hits.len() implies 0 <= #[trigger] hits[k] < items.len()
            && contains_text(items[hits[k]].path, text) by {
            if k < before.len() {
                assert(hits[k] == before[k]);
                assert(shorter[before[k]] == items[before[k]]);
            }
        }
        assert forall|k: int, m: int| 0 <= k < m < hits.len() implies #[trigger] hits[k]
            < #[trigger] hits[m] by {
            assert(hits[k] == before[k]);
            if m < before.len() {
                assert(hits[m] == before[m]);
            }
        }
    }
}

/// The projects of the list: those that it shows, all that were found, and
/// which of those shown is selected.
pub struct ProjectsList {
    /// The projects that the list shows, in the order in which it shows
    /// them.
    pub items: Vec<Project>,
    /// All projects, in the order in which they were found.
    pub items_state: Vec<Project>,
    /// The index of the selected project among those shown.
    pub selected: Option<usize>,
}

/// Whether project `a` comes before project `b` in an order.
pub fn comes_before(sort: &Sorting, a: &Project, b: &Project) -> (before: bool)
    ensures
        before == sorts_before(*sort, a@, b@),
{
    match sort {
        Sorting::Name => path_comes_first(a.path.as_str(), b.path.as_str()),
        Sorting::Size => a.size < b.size,
        Sorting::Commits => a.git_info.commit_count < b.git_info.commit_count,
        Sorting::CreationDate => a.git_info.init_date < b.git_info.init_date,
        Sorting::ModificationDate => a.git_info.last_commit_date < b.git_info.last_commit_date,
        Sorting::Loc => a.languages_total.lines < b.languages_total.lines,
    }
}

/// Whether a filter lets a project through, for a user of the given name.
pub fn lets_through(filter: &Filter, username: &str, project: &Project) -> (through: bool)
    ensures
        through == passes(*filter, username@, project@),
{
    match filter {
        Filter::All => true,
        Filter::Owned => {
            let owner = get_remote_username(project);
            let wanted = username.to_owned();
            owner == wanted
        },
        Filter::NotOwned => {
            let owner = get_remote_username(project);
            let wanted = username.to_owned();
            !(owner == wanted)
        },
        Filter::HasRemote => project.git_info.remote_url.is_some(),
        Filter::NoRemote => project.git_info.remote_url.is_none(),
    }
}

impl ProjectsList {
    /// A list that shows all of `projects`, with none selected.
    pub fn new(projects: Vec<Project>) -> (list: Self)
        ensures
            list.items_state == projects,
            project_views(list.items@) == project_views(projects@),
            list.selected is None,
    {
        let mut items: Vec<Project> = Vec::new();
        let mut i: usize = 0;
        while i < projects.len()
            invariant
                i <= projects.len(),
                items@.len() == i,
                forall|k: int| 0 <= k < i ==> (#[trigger] items@[k])@ == projects@[k]@,
            decreases projects.len() - i,
        {
            items.push(projects[i].clone());
            i += 1;
        }
        proof {
            assert(project_views(items@) =~= project_views(projects@));
        }
        ProjectsList { items, items_state: projects, selected: None }
    }

    /// Puts the shown projects into an order, rising, or falling with
    /// `invert`, and selects the first of them. Projects of equal rank keep
    /// their order in the rising order.
    pub fn sort_projects(&mut self, sort_type: &Sorting, invert: bool)
        ensures
            project_views(final(self).items@) == arranged(
                *sort_type,
                invert,
                project_views(old(self).items@),
            ),
            final(self).items_state == old(self).items_state,
            final(self).selected == Some(0usize),
    {
        let ghost start = project_views(self.items@);
        let mut sorted: Vec<Project> = Vec::new();
        let mut taken: usize = 0;
        let total: usize = self.items.len();
        proof {
            assert(start.subrange(0, 0) =~= Seq::<ProjectView>::empty());
            assert(project_views(sorted@) =~= Seq::<ProjectView>::empty());
        }
        while self.items.len() > 0
            invariant
                self.items_state == old(self).items_state,
                self.selected == old(self).selected,
                taken + self.items@.len() == total,
                total == start.len(),
                project_views(self.items@) == start.subrange(taken as int, total as int),
                project_views(sorted@) == sorted_by(*sort_type, start.subrange(0, taken as int)),
            decreases self.items.len(),
        {
            let ghost rest = project_views(self.items@);
            let ghost held = self.items@;
            let item = self.items.remove(0);
            let ghost done = project_views(sorted@);
            let mut at: usize = sorted.len();
            proof {
                assert(self.items@ =~= held.skip(1));
                assert forall|k: int| 0 <= k < self.items@.len() implies project_views(
                    self.items@,
                )[k] == start[taken + 1 + k] by {
                    assert(self.items@[k] == held[k + 1]);
                    assert(rest[k + 1] == start[taken + (k + 1)]);
                }
                assert(project_views(self.items@) =~= start.subrange(taken + 1, total as int));
                assert(item@ == rest[0]);
                assert(rest[0] == start[taken as int]);
                assert(done.subrange(0, at as int) =~= done);
            }
            while at > 0 && comes_before(sort_type, &item, &sorted[at - 1])
                invariant
                    at <= sorted@.len(),
                    done == project_views(sorted@),
                    sorted_slot(*sort_type, done, item@) == sorted_slot(
                        *sort_type,
                        done.subrange(0, at as int),
                        item@,
                    ),
                decreases at,
            {
                proof {
                    let head = done.subrange(0, at as int);
                    assert(head.last() == sorted@[at - 1]@);
                    assert(head.drop_last() =~= done.subrange(0, at - 1));
                }
                at -= 1;
            }
            proof {
                let head = done.subrange(0, at as int);
                if at > 0 {
                    assert(head.last() == sorted@[at - 1]@);
                }
            }
            sorted.insert(at, item);
            taken += 1;
            proof {
                let grown = start.subrange(0, taken as int);
                assert(grown.drop_last() =~= start.subrange(0, taken - 1));
                assert(grown.last() == start[taken - 1]);
                assert(project_views(sorted@) =~= done.insert(at as int, item@));
            }
        }
        proof {
            assert(start.subrange(0, total as int) =~= start);
        }
        if invert {
            let ghost rising = project_views(sorted@);
            let mut falling: Vec<Project> = Vec::new();
            while sorted.len() > 0
                invariant
                    sorted@.len() + falling@.len() == rising.len(),
                    project_views(sorted@) == rising.subrange(0, sorted@.len() as int),
                    forall|k: int|
                        0 <= k < falling@.len() ==> (#[trigger] falling@[k])@ == rising[rising.len()
                            - 1 - k],
                decreases sorted.len(),
            {
                let ghost before = project_views(sorted@);
                let item = sorted.pop().unwrap();
                proof {
                    assert(item@ == before[before.len() - 1]);
                    assert(project_views(sorted@) =~= rising.subrange(0, sorted@.len() as int));
                }
                falling.push(item);
            }
            proof {
                assert(project_views(falling@) =~= rising.reverse());
            }
            self.items = falling;
        } else {
            self.items = sorted;
        }
        self.selected = Some(0);
    }

    /// Shows those of all projects that a filter lets through, in the order
    /// in which they were found, and selects the first of them, or none
    /// where none is shown.
    pub fn filter_projects(&mut self, filter_type: &Filter, username: &str)
        ensures
            project_views(final(self).items@) == filtered(
                *filter_type,
                username@,
                project_views(old(self).items_state@),
            ),
            final(self).items_state == old(self).items_state,
            final(self).selected == if final(self).items@.len() == 0 {
                None
            } else {
                Some(0usize)
            },
    {
        let ghost all = project_views(self.items_state@);
        let mut items: Vec<Project> = Vec::new();
        let mut i: usize = 0;
        proof {
            assert(all.subrange(0, 0) =~= Seq::<ProjectView>::empty());
            assert(project_views(items@) =~= Seq::<ProjectView>::empty());
        }
        while i < self.items_state.len()
            invariant
                i <= self.items_state@.len(),
                self.items_state == old(self).items_state,
                all == project_views(self.items_state@),
                project_views(items@) == filtered(
                    *filter_type,
                    username@,
                    all.subrange(0, i as int),
                ),
            decreases self.items_state.len() - i,
        {
            let ghost shown = project_views(items@);
            proof {
                let grown = all.subrange(0, i + 1);
                assert(grown.drop_last() =~= all.subrange(0, i as int));
                assert(grown.last() == self.items_state@[i as int]@);
            }
            if lets_through(filter_type, username, &self.items_state[i]) {
                let copy = self.items_state[i].clone();
                items.push(copy);
                proof {
                    assert(project_views(items@) =~= shown.push(copy@));
                }
            }
            i += 1;
        }
        proof {
            assert(all.subrange(0, all.len() as int) =~= all);
        }
        self.selected = if items.len() == 0 {
            None
        } else {
            Some(0)
        };
        self.items = items;
    }

    /// Looks for the shown projects whose path contains `search_text`,
    /// selects hit number `index` of them, or none where there are fewer,
    /// and gives the number of hits.
    pub fn search(&mut self, search_text: &str, index: usize) -> (count: usize)
        ensures
            count == matching(project_views(old(self).items@), search_text@).len(),
            final(self).selected == hit(
                project_views(old(self).items@),
                search_text@,
                index as int,
            ),
            final(self).items == old(self).items,
            final(self).items_state == old(self).items_state,
    {
        let ghost shown = project_views(self.items@);
        let mut count: usize = 0;
        let mut found: Option<usize> = None;
        let mut i: usize = 0;
        proof {
            assert(shown.subrange(0, 0) =~= Seq::<ProjectView>::empty());
        }
        while i < self.items.len()
            invariant
                i <= self.items@.len(),
                self.items == old(self).items,
                self.items_state == old(self).items_state,
                shown == project_views(self.items@),
                count == matching(shown.subrange(0, i as int), search_text@).len(),
                count <= i,
                found == hit(shown.subrange(0, i as int), search_text@, index as int),
            decreases self.items.len() - i,
        {
            proof {
                let grown = shown.subrange(0, i + 1);
                assert(grown.drop_last() =~= shown.subrange(0, i as int));
                assert(grown.last() == self.items@[i as int]@);
            }
            if text_contains(self.items[i].path.as_str(), search_text) {
                if count == index {
                    found = Some(i);
                }
                count += 1;
            }
            i += 1;
        }
        proof {
            assert(shown.subrange(0, shown.len() as int) =~= shown);
        }
        self.selected = found;
        count
    }
}

/// A key as the list understands it.
#[derive(Debug, Clone, Copy, PartialEq, Eq, Structural)]
pub enum Key {
    Char(char),
    Esc,
    Down,
    Up,
    Home,
    End,
    Left,
    Right,
    Backspace,
    Enter,
    /// Any other key.
    Other,
}

/// How the list's drawing state is to move its selection by itself after a
/// key.
#[derive(Debug, Clone, Copy, PartialEq, Eq, Structural)]
pub enum Motion {
    /// Not by itself: the selection is as `ProjectsList::selected` says.
    Stay,
    Next,
    Previous,
    First,
    Last,
}

/// The state of the program between two keys.
pub struct App {
    pub should_exit: bool,
    pub show_project_info: bool,
    pub show_languages: bool,
    pub projects_list: ProjectsList,
    pub sort_type: Sorting,
    pub filter_type: Filter,
    pub invert: bool,
    /// The user's name in git, by which the filters tell own projects.
    pub git_name: String,
    /// The text that is searched for; `None` outside a search.
    pub search_text: Option<String>,
    /// Which hit of the search is selected, from 0.
    pub search_index: usize,
    /// How many hits the search has.
    pub search_count: usize,
}

/// What a key does outside a search, apart from what it does to the list.
/// `then` is the state after the key, `motion` what the drawing state is
/// asked to do.
pub open spec fn plain_key_outcome(was: App, key: Key, then: App, motion: Motion) -> bool {
    &&& then.should_exit == (was.should_exit || key == Key::Char('q') || key == Key::Esc)
    &&& then.show_project_info == (was.show_project_info != (key == Key::Char('1')))
    &&& then.show_languages == (was.show_languages != (key == Key::Char('2')))
    &&& then.sort_type == if key == Key::Char('h') || key == Key::Left {
        Sorting::at((was.sort_type.index() + 5) % 6)
    } else if key == Key::Char('l') || key == Key::Right {
        Sorting::at((was.sort_type.index() + 1) % 6)
    } else {
        was.sort_type
    }
    &&& then.invert == (was.invert != (key == Key::Char('i')))
    &&& then.filter_type == if key == Key::Char('y') {
        Filter::at((was.filter_type.index() + 4) % 5)
    } else if key == Key::Char('o') {
        Filter::at((was.filter_type.index() + 1) % 5)
    } else {
        was.filter_type
    }
    &&& then.git_name == was.git_name
    &&& then.search_index == was.search_index
    &&& then.search_count == was.search_count
    &&& if key == Key::Char('/') {
        if was.search_text is Some {
            then.search_text is None
        } else {
            then.search_text is Some && then.search_text->0@ == Seq::<char>::empty()
        }
    } else {
        then.search_text == was.search_text
    }
    &&& motion == if key == Key::Char('j') || key == Key::Down {
        Motion::Next
    } else if key == Key::Char('k') || key == Key::Up {
        Motion::Previous
    } else if key == Key::Char('g') || key == Key::Home {
        Motion::First
    } else if key == Key::Char('G') || key == Key::End {
        Motion::Last
    } else {
        Motion::Stay
    }
}

/// What a key does to the list outside a search: `d` and `u` move the
/// selection by ten, the keys of the orders sort, those of the filters
/// filter, and the others leave the list alone.
pub open spec fn plain_key_list(was: App, key: Key, then: App) -> bool {
    let list = was.projects_list;
    let shown = project_views(list.items@);
    if key == Key::Char('d') {
        &&& then.projects_list.items == list.items
        &&& then.projects_list.items_state == list.items_state
        &&& then.projects_list.selected == Some(
            match list.selected {
                Some(at) => (at + 10) as usize,
                None => 0usize,
            },
        )
    } else if key == Key::Char('u') {
        &&& then.projects_list.items == list.items
        &&& then.projects_list.items_state == list.items_state
        &&& then.projects_list.selected == Some(
            match list.selected {
                Some(at) => if at >= 10 {
                    (at - 10) as usize
                } else {
                    0usize
                },
                None => list.items@.len() as usize,
            },
        )
    } else if key == Key::Char('h') || key == Key::Left || key == Key::Char('l') || key
        == Key::Right || key == Key::Char('i') {
        &&& project_views(then.projects_list.items@) == arranged(
            then.sort_type,
            then.invert,
            shown,
        )
        &&& then.projects_list.items_state == list.items_state
        &&& then.projects_list.selected == Some(0usize)
    } else if key == Key::Char('y') || key == Key::Char('o') {
        &&& project_views(then.projects_list.items@) == filtered(
            then.filter_type,
            was.git_name@,
            project_views(list.items_state@),
        )
        &&& then.projects_list.items_state == list.items_state
        &&& then.projects_list.selected == if then.projects_list.items@.len() == 0 {
            None
        } else {
            Some(0usize)
        }
    } else {
        then.projects_list == list
    }
}

/// The text that a search is made for: the text of the search, or the
/// empty text outside a search.
pub open spec fn search_text_of(app: App) -> Seq<char> {
    match app.search_text {
        Some(text) => text@,
        None => Seq::empty(),
    }
}

/// The text that is searched for after a key: a character is added to the
/// text of a search and `Backspace` takes its last one away, `Enter` leaves
/// it as it is; `None` for the keys after which nothing is searched.
pub open spec fn searched_text(was: App, key: Key) -> Option<Seq<char>> {
    let text = search_text_of(was);
    match key {
        Key::Char(c) => Some(
            if was.search_text is Some {
                text.push(c)
            } else {
                text
            },
        ),
        Key::Backspace => Some(
            if text.len() > 0 {
                text.drop_last()
            } else {
                text
            },
        ),
        Key::Enter => Some(text),
        _ => None,
    }
}

/// What a key does during a search: `Esc` ends the search, a character is
/// added to its text, `Backspace` takes the last one away, and `Enter` goes
/// on to the next hit, or back to the first from the last. After any of the
/// last three the list is searched for the text, and the hit whose number
/// the search stood at is selected.
pub open spec fn search_key_outcome(was: App, key: Key, then: App) -> bool {
    let shown = project_views(was.projects_list.items@);
    &&& then.should_exit == was.should_exit
    &&& then.show_project_info == was.show_project_info
    &&& then.show_languages == was.show_languages
    &&& then.sort_type == was.sort_type
    &&& then.filter_type == was.filter_type
    &&& then.invert == was.invert
    &&& then.git_name == was.git_name
    &&& then.projects_list.items == was.projects_list.items
    &&& then.projects_list.items_state == was.projects_list.items_state
    &&& match searched_text(was, key) {
        Some(wanted) => {
            let hits = matching(shown, wanted).len();
            let last = if hits == 0 {
                usize::MAX as int
            } else {
                hits - 1
            };
            &&& then.search_text is Some == was.search_text is Some
            &&& search_text_of(then) == wanted
            &&& then.search_count == hits
            &&& then.projects_list.selected == hit(shown, wanted, was.search_index as int)
            &&& then.search_index == if key == Key::Enter {
                if was.search_index >= last {
                    0usize
                } else {
                    (was.search_index + 1) as usize
                }
            } else {
                was.search_index
            }
        },
        None => {
            &&& then.search_count == was.search_count
            &&& then.projects_list.selected == was.projects_list.selected
            &&& if key == Key::Esc {
                then.search_text is None && then.search_index == 0
            } else {
                then.search_text == was.search_text && then.search_index == was.search_index
            }
        },
    }
}

impl App {
    /// The program at its start: all projects shown in the order in which
    /// they were found, both panels open, no search.
    pub fn new(projects_list: Vec<Project>, git_name: String) -> (app: Self)
        ensures
            !app.should_exit,
            app.show_project_info,
            app.show_languages,
            app.sort_type == Sorting::Name,
            app.filter_type == Filter::All,
            !app.invert,
            app.git_name == git_name,
            app.search_text is None,
            app.search_index == 0,
            app.search_count == 0,
            app.projects_list.items_state == projects_list,
            project_views(app.projects_list.items@) == project_views(projects_list@),
            app.projects_list.selected is None,
    {
        Self {
            should_exit: false,
            show_project_info: true,
            show_languages: true,
            sort_type: Sorting::Name,
            filter_type: Filter::All,
            projects_list: ProjectsList::new(projects_list),
            invert: false,
            git_name,
            search_text: None,
            search_index: 0,
            search_count: 0,
        }
    }

    /// Takes a key outside a search. A key that is not pressed, but held or
    /// released, does nothing.
    pub fn handle_key(&mut self, key: Key, pressed: bool) -> (motion: Motion)
        requires
            key == Key::Char('d') && old(self).projects_list.selected is Some ==> old(
                self,
            ).projects_list.selected->0 + 10 <= usize::MAX,
        ensures
            !pressed ==> *final(self) == *old(self) && motion == Motion::Stay,
            pressed ==> plain_key_outcome(*old(self), key, *final(self), motion),
            pressed ==> plain_key_list(*old(self), key, *final(self)),
    {
        if !pressed {
            return Motion::Stay;
        }
        match key {
            Key::Char('q') | Key::Esc => {
                self.should_exit = true;
                Motion::Stay
            },
            Key::Char('j') | Key::Down => Motion::Next,
            Key::Char('k') | Key::Up => Motion::Previous,
            Key::Char('d') => {
                self.select_next_10();
                Motion::Stay
            },
            Key::Char('u') => {
                self.select_previous_10();
                Motion::Stay
            },
            Key::Char('g') | Key::Home => Motion::First,
            Key::Char('G') | Key::End => Motion::Last,
            Key::Char('1') => {
                self.show_project_info = !self.show_project_info;
                Motion::Stay
            },
            Key::Char('2') => {
                self.show_languages = !self.show_languages;
                Motion::Stay
            },
            Key::Char('h') | Key::Left => {
                self.sort_type = self.sort_type.previous();
                self.projects_list.sort_projects(&self.sort_type, self.invert);
                Motion::Stay
            },
            Key::Char('l') | Key::Right => {
                self.sort_type = self.sort_type.next();
                self.projects_list.sort_projects(&self.sort_type, self.invert);
                Motion::Stay
            },
            Key::Char('i') => {
                self.invert = !self.invert;
                self.projects_list.sort_projects(&self.sort_type, self.invert);
                Motion::Stay
            },
            Key::Char('y') => {
                self.filter_type = self.filter_type.previous();
                self.projects_list.filter_projects(&self.filter_type, self.git_name.as_str());
                Motion::Stay
            },
            Key::Char('o') => {
                self.filter_type = self.filter_type.next();
                self.projects_list.filter_projects(&self.filter_type, self.git_name.as_str());
                Motion::Stay
            },
            Key::Char('/') => {
                if self.search_text.is_some() {
                    self.search_text = None;
                } else {
                    self.search_text = Some(String::new());
                }
                Motion::Stay
            },
            _ => Motion::Stay,
        }
    }

    /// Takes a key during a search. A key that is not pressed, but held or
    /// released, does nothing.
    pub fn handle_search_key(&mut self, key: Key, pressed: bool)
        ensures
            !pressed ==> *final(self) == *old(self),
            pressed ==> search_key_outcome(*old(self), key, *final(self)),
    {
        if !pressed {
            return ;
        }
        let active: bool = self.search_text.is_some();
        let mut text: String = match &self.search_text {
            Some(text) => text.clone(),
            None => String::new(),
        };
        match key {
            Key::Esc => {
                self.search_text = None;
                self.search_index = 0;
            },
            Key::Char(c) => {
                if active {
                    push_char(&mut text, c);
                }
                self.search_count = self.projects_list.search(text.as_str(), self.search_index);
                if active {
                    self.search_text = Some(text);
                }
            },
            Key::Backspace => {
                pop_char(&mut text);
                self.search_count = self.projects_list.search(text.as_str(), self.search_index);
                if active {
                    self.search_text = Some(text);
                }
            },
            Key::Enter => {
                self.search_count = self.projects_list.search(text.as_str(), self.search_index);
                let last: usize = self.search_count.wrapping_sub(1);
                if self.search_index >= last {
                    self.search_index = 0;
                } else {
                    self.search_index += 1;
                }
            },
            _ => {},
        }
    }

    /// Selects the project ten further down, or the first where none is
    /// selected.
    pub fn select_next_10(&mut self)
        requires
            old(self).projects_list.selected is Some ==> old(self).projects_list.selected->0 + 10
                <= usize::MAX,
        ensures
            *final(self) == (App {
                projects_list: ProjectsList {
                    selected: Some(
                        match old(self).projects_list.selected {
                            Some(at) => (at + 10) as usize,
                            None => 0usize,
                        },
                    ),
                    ..old(self).projects_list
                },
                ..*old(self)
            }),
    {
        let target: usize = match self.projects_list.selected {
            Some(at) => at + 10,
            None => 0,
        };
        self.projects_list.selected = Some(target);
    }

    /// Selects the project ten further up, the first where fewer than ten
    /// are above, or the index behind the last where none is selected.
    pub fn select_previous_10(&mut self)
        ensures
            *final(self) == (App {
                projects_list: ProjectsList {
                    selected: Some(
                        match old(self).projects_list.selected {
                            Some(at) => if at >= 10 {
                                (at - 10) as usize
                            } else {
                                0usize
                            },
                            None => old(self).projects_list.items@.len() as usize,
                        },
                    ),
                    ..old(self).projects_list
                },
                ..*old(self)
            }),
    {
        let target: usize = match self.projects_list.selected {
            Some(at) => if at >= 10 {
                at - 10
            } else {
                0
            },
            None => self.projects_list.items.len(),
        };
        self.projects_list.selected = Some(target);
    }
}

} // verus!
