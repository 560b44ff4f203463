//! One task record: its structured fields, its mathematical model, and
//! structural equality with set semantics for the tag fields.

use vstd::prelude::*;

use crate::date::Date;
use crate::text::contains_string;

verus! {

/// The mathematical model of one record. The tag collections are sets:
/// unordered and duplicate-free. The description is the character
/// sequence of the text.
#[verifier::ext_equal]
pub struct RecordModel {
    pub completed: bool,
    pub priority: Option<char>,
    pub completion_date: Option<Date>,
    pub creation_date: Option<Date>,
    pub contexts: Set<Seq<char>>,
    pub projects: Set<Seq<char>>,
    pub description: Seq<char>,
}

/// One task, decoded from a single line of the format. Tag tokens stay
/// embedded in the description and are extracted in addition to it.
#[derive(Debug, Clone)]
pub struct TodoItem {
    pub completed: bool,
    pub priority: Option<char>,
    pub completion_date: Option<Date>,
    pub creation_date: Option<Date>,
    pub contexts: Vec<String>,
    pub projects: Vec<String>,
    pub description: String,
}

impl View for TodoItem {
    type V = RecordModel;

    open spec fn view(&self) -> RecordModel {
        RecordModel {
            completed: self.completed,
            priority: self.priority,
            completion_date: self.completion_date,
            creation_date: self.creation_date,
            contexts: self.contexts.deep_view().to_set(),
            projects: self.projects.deep_view().to_set(),
            description: self.description@,
        }
    }
}

impl DeepView for TodoItem {
    type V = RecordModel;

    open spec fn deep_view(&self) -> RecordModel {
        self.view()
    }
}

impl TodoItem {
    /// The tag vectors carry each name at most once.
    pub open spec fn wf(self) -> bool {
        self.contexts.deep_view().no_duplicates() && self.projects.deep_view().no_duplicates()
    }
}

/// Why a line, a record, or a file could not be handled.
#[derive(Debug, Clone)]
pub enum TodoError {
    /// A malformed priority-like token, reserved for stricter modes; in
    /// this dialect such tokens fall through to the description.
    InvalidPriority(String),
    /// A token of date shape that names no valid calendar date, reserved
    /// for stricter modes; here such tokens fall through to the description.
    InvalidDate(String),
    /// The line was empty or all whitespace; callers skip such lines
    /// before parsing.
    EmptyLine,
    /// An underlying read, write, or rename failed.
    IO(String),
    /// A record held a completion date without a creation date, which the
    /// serializer rejects.
    Format,
    /// An unreachable catch-all.
    Unknown,
}

fn option_char_eq(a: &Option<char>, b: &Option<char>) -> (r: bool)
    ensures
        r == (a == b),
{
    match (a, b) {
        (None, None) => true,
        (Some(x), Some(y)) => *x == *y,
        _ => false,
    }
}

fn option_date_eq(a: &Option<Date>, b: &Option<Date>) -> (r: bool)
    ensures
        r == (a == b),
{
    match (a, b) {
        (None, None) => true,
        (Some(x), Some(y)) => *x == *y,
        _ => false,
    }
}

/// Whether every entry of `a` also occurs in `b`, as sets of texts.
fn vec_set_subset(a: &Vec<String>, b: &Vec<String>) -> (r: bool)
    ensures
        r == a.deep_view().to_set().subset_of(b.deep_view().to_set()),
{
    let mut k: usize = 0;
    while k < a.len()
        invariant
            0 <= k <= a.len(),
            forall|i: int|
                0 <= i < k ==> b.deep_view().to_set().contains(#[trigger] a.deep_view()[i]),
        decreases a.len() - k,
    {
        if !contains_string(b, &a[k]) {
            assert(a.deep_view().to_set().contains(a.deep_view()[k as int]));
            assert(!b.deep_view().to_set().contains(a.deep_view()[k as int]));
            return false;
        }
        assert(b.deep_view().to_set().contains(a.deep_view()[k as int]));
        k += 1;
    }
    assert forall|t: Seq<char>|
        a.deep_view().to_set().contains(t) implies b.deep_view().to_set().contains(t) by {
        let i = choose|i: int| 0 <= i < a.deep_view().len() && a.deep_view()[i] == t;
        assert(b.deep_view().to_set().contains(a.deep_view()[i]));
    }
    true
}

impl PartialEq for TodoItem {
    /// Structural equality across all fields, with the tag fields compared
    /// as sets: order-independent, duplicates collapsed.
    fn eq(&self, other: &TodoItem) -> (r: bool) {
        let r = self.completed == other.completed && option_char_eq(&self.priority, &other.priority)
            && option_date_eq(&self.completion_date, &other.completion_date) && option_date_eq(
            &self.creation_date,
            &other.creation_date,
        ) && vec_set_subset(&self.contexts, &other.contexts) && vec_set_subset(
            &other.contexts,
            &self.contexts,
        ) && vec_set_subset(&self.projects, &other.projects) && vec_set_subset(
            &other.projects,
            &self.projects,
        ) && self.description.eq(&other.description);
        proof {
            if r {
                assert(self.contexts.deep_view().to_set() =~= other.contexts.deep_view().to_set());
                assert(self.projects.deep_view().to_set() =~= other.projects.deep_view().to_set());
                assert(self@ =~= other@);
            } else {
                assert(self@ == other@ ==> r);
            }
        }
        r
    }
}

impl vstd::std_specs::cmp::PartialEqSpecImpl for TodoItem {
    open spec fn obeys_eq_spec() -> bool {
        true
    }

    open spec fn eq_spec(&self, other: &TodoItem) -> bool {
        self@ == other@
    }
}

} // verus!
